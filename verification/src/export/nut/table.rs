//! The main header: time bases, the frame-code table and elision headers.
use super::cursor::{field_at, signed_field_at, take_at, Bytes};
use super::fault::Fault;
use super::number::two64;
use super::{flagged, FrameCode, FLAG_INVALID, MAX_STREAMS, STARTCODE_BYTE};
use crate::probe::Rational;
use vstd::prelude::*;
use vstd::slice::slice_to_vec;

verus! {

/// A number that is there only where `present`.
pub open spec fn maybe_field(s: Seq<u8>, at: int, present: bool, default: u64) -> Result<
    (u64, int),
    Fault,
> {
    if present {
        field_at(s, at)
    } else {
        Ok((default, at))
    }
}

/// A signed number that is there only where `present`.
pub open spec fn maybe_signed(s: Seq<u8>, at: int, present: bool, default: i64) -> Result<
    (i64, int),
    Fault,
> {
    if present {
        signed_field_at(s, at)
    } else {
        Ok((default, at))
    }
}

/// Where `count` numbers from `at` on end.
pub open spec fn past_fields(s: Seq<u8>, at: int, count: int) -> Result<int, Fault>
    decreases count,
{
    if count <= 0 {
        Ok(at)
    } else {
        match field_at(s, at) {
            Ok((_, next)) => past_fields(s, next, count - 1),
            Err(fault) => Err(fault),
        }
    }
}

/// A run of the frame-code table.
#[derive(Debug, Clone, Copy, PartialEq, Eq, Structural)]
pub struct Run {
    pub flags: u64,
    pub pts: i64,
    pub mul: u64,
    pub stream: u64,
    pub size: u64,
    pub reserved: u64,
    pub count: u64,
    pub header_idx: usize,
}

/// What the first run carries on from.
pub open spec fn first_run() -> Run {
    Run {
        flags: 0,
        pts: 0,
        mul: 1,
        stream: 0,
        size: 0,
        reserved: 0,
        count: 0,
        header_idx: 0,
    }
}

/// `n` as an index: the greatest where it does not fit.
pub open spec fn index_of(n: u64) -> usize {
    if n > usize::MAX {
        usize::MAX
    } else {
        n as usize
    }
}

/// The run at `at`: its flags, a count of fields, and as many fields, those
/// that are missing carried on from the run before or zero. Without a count of
/// its own, a run covers the sizes up to its multiplier.
pub open spec fn run_at(s: Seq<u8>, at: int, before: Run) -> Result<(Run, int), Fault> {
    match field_at(s, at) {
        Err(fault) => Err(fault),
        Ok((flags, at)) => match field_at(s, at) {
            Err(fault) => Err(fault),
            Ok((fields, at)) => match maybe_signed(s, at, fields > 0, before.pts) {
                Err(fault) => Err(fault),
                Ok((pts, at)) => match maybe_field(s, at, fields > 1, before.mul) {
                    Err(fault) => Err(fault),
                    Ok((mul, at)) => match maybe_field(s, at, fields > 2, before.stream) {
                        Err(fault) => Err(fault),
                        Ok((stream, at)) => run_sizes_at(
                            s,
                            at,
                            Run { flags, pts, mul, stream, ..before },
                            fields,
                        ),
                    },
                },
            },
        },
    }
}

/// The rest of a run, from its size on.
pub open spec fn run_sizes_at(s: Seq<u8>, at: int, run: Run, fields: u64) -> Result<
    (Run, int),
    Fault,
> {
    match maybe_field(s, at, fields > 3, 0) {
        Err(fault) => Err(fault),
        Ok((size, at)) => match maybe_field(s, at, fields > 4, 0) {
            Err(fault) => Err(fault),
            Ok((reserved, at)) => match maybe_field(
                s,
                at,
                fields > 5,
                ((run.mul - size) % two64()) as u64,
            ) {
                Err(fault) => Err(fault),
                Ok((count, at)) => match maybe_signed(s, at, fields > 6, 0) {
                    Err(fault) => Err(fault),
                    Ok((_, at)) => match maybe_field(s, at, fields > 7, 0) {
                        Err(fault) => Err(fault),
                        Ok((index, at)) => match past_fields(s, at, fields - 8) {
                            Err(fault) => Err(fault),
                            Ok(at) => Ok(
                                (
                                    Run {
                                        size,
                                        reserved,
                                        count,
                                        header_idx: if fields > 7 {
                                            index_of(index)
                                        } else {
                                            run.header_idx
                                        },
                                        ..run
                                    },
                                    at,
                                ),
                            ),
                        },
                    },
                },
            },
        },
    }
}

/// The table entry of the `j`-th code of a run.
pub open spec fn code_of(run: Run, j: int) -> FrameCode {
    FrameCode {
        flags: run.flags,
        stream: run.stream,
        size_mul: run.mul,
        size_lsb: (run.size + j) as u64,
        pts_delta: run.pts,
        reserved: run.reserved,
        header_idx: run.header_idx,
    }
}

/// An entry no run has filled.
pub open spec fn unset() -> FrameCode {
    FrameCode {
        flags: 0,
        stream: 0,
        size_mul: 0,
        size_lsb: 0,
        pts_delta: 0,
        reserved: 0,
        header_idx: 0,
    }
}

/// The startcode byte's entry: never a frame.
pub open spec fn barred() -> FrameCode {
    FrameCode { flags: FLAG_INVALID, ..unset() }
}

/// The code after a run of `count` codes from `i` on: the startcode byte is
/// skipped.
pub open spec fn after_run(i: int, count: int) -> int {
    if i <= STARTCODE_BYTE && i + count > STARTCODE_BYTE {
        i + count + 1
    } else {
        i + count
    }
}

/// The table with the codes of a run from `i` on filled in.
pub open spec fn filled(codes: Seq<FrameCode>, i: int, run: Run) -> Seq<FrameCode> {
    Seq::new(
        256,
        |k: int|
            if i <= k < after_run(i, run.count as int) {
                if k == STARTCODE_BYTE {
                    barred()
                } else if i <= STARTCODE_BYTE && k > STARTCODE_BYTE {
                    code_of(run, k - i - 1)
                } else {
                    code_of(run, k - i)
                }
            } else {
                codes[k]
            },
    )
}

/// A run from code `i` on is possible: it has codes, no more than there is
/// room for, its stream is declared and its sizes are numbers.
pub open spec fn run_fits(run: Run, i: int, streams: u64) -> bool {
    let room = if i <= STARTCODE_BYTE {
        255 - i
    } else {
        256 - i
    };
    0 < run.count <= room && run.stream < streams && run.size + run.count - 1 <= u64::MAX
}

/// The table from code `i` on, at `at`.
pub open spec fn table_at(
    s: Seq<u8>,
    at: int,
    streams: u64,
    i: int,
    before: Run,
    codes: Seq<FrameCode>,
) -> Result<(Seq<FrameCode>, int), Fault>
    decreases 256 - i,
{
    if i >= 256 {
        Ok((codes.update(STARTCODE_BYTE as int, barred()), at))
    } else {
        match run_at(s, at, before) {
            Err(fault) => Err(fault),
            Ok((run, next)) => if run_fits(run, i, streams) {
                table_at(
                    s,
                    next,
                    streams,
                    after_run(i, run.count as int),
                    run,
                    filled(codes, i, run),
                )
            } else {
                Err(Fault::InvalidEntry(i as usize))
            },
        }
    }
}

/// A table nothing has been filled into.
pub open spec fn blank_table() -> Seq<FrameCode> {
    Seq::new(256, |k: int| unset())
}

/// Read past `count` numbers.
fn skip(bytes: &mut Bytes<'_>, count: u64) -> (done: Result<(), Fault>)
    requires
        old(bytes).wf(),
    ensures
        final(bytes).wf(),
        final(bytes).data == old(bytes).data,
        match (done, past_fields(old(bytes).data@, old(bytes).at as int, count as int)) {
            (Ok(_), Ok(end)) => final(bytes).at == end,
            (Err(a), Err(b)) => a == b,
            _ => false,
        },
{
    let mut left: u64 = count;
    while left > 0
        invariant
            bytes.wf(),
            bytes.data == old(bytes).data,
            past_fields(old(bytes).data@, old(bytes).at as int, count as int) == past_fields(
                bytes.data@,
                bytes.at as int,
                left as int,
            ),
        decreases left,
    {
        let _ = bytes.v()?;
        left = left - 1;
    }
    Ok(())
}

/// A number that is there only where `present`.
fn maybe_v(bytes: &mut Bytes<'_>, present: bool, default: u64) -> (value: Result<u64, Fault>)
    requires
        old(bytes).wf(),
    ensures
        final(bytes).wf(),
        final(bytes).data == old(bytes).data,
        match (value, maybe_field(old(bytes).data@, old(bytes).at as int, present, default)) {
            (Ok(value), Ok((there, end))) => value == there && final(bytes).at == end,
            (Err(a), Err(b)) => a == b,
            _ => false,
        },
{
    if present {
        bytes.v()
    } else {
        Ok(default)
    }
}

/// A signed number that is there only where `present`.
fn maybe_s(bytes: &mut Bytes<'_>, present: bool, default: i64) -> (value: Result<i64, Fault>)
    requires
        old(bytes).wf(),
    ensures
        final(bytes).wf(),
        final(bytes).data == old(bytes).data,
        match (value, maybe_signed(old(bytes).data@, old(bytes).at as int, present, default)) {
            (Ok(value), Ok((there, end))) => value == there && final(bytes).at == end,
            (Err(a), Err(b)) => a == b,
            _ => false,
        },
{
    if present {
        bytes.s()
    } else {
        Ok(default)
    }
}

/// Read a run of the table.
fn run(bytes: &mut Bytes<'_>, before: Run) -> (read: Result<Run, Fault>)
    requires
        old(bytes).wf(),
    ensures
        final(bytes).wf(),
        final(bytes).data == old(bytes).data,
        match (read, run_at(old(bytes).data@, old(bytes).at as int, before)) {
            (Ok(read), Ok((there, end))) => read == there && final(bytes).at == end,
            (Err(a), Err(b)) => a == b,
            _ => false,
        },
{
    let flags: u64 = bytes.v()?;
    let fields: u64 = bytes.v()?;
    let pts: i64 = maybe_s(bytes, fields > 0, before.pts)?;
    let mul: u64 = maybe_v(bytes, fields > 1, before.mul)?;
    let stream: u64 = maybe_v(bytes, fields > 2, before.stream)?;
    let size: u64 = maybe_v(bytes, fields > 3, 0)?;
    let reserved: u64 = maybe_v(bytes, fields > 4, 0)?;
    let rest: u64 = mul.wrapping_sub(size);
    assert(rest == (mul - size) % two64()) by {
        if mul >= size {
            vstd::arithmetic::div_mod::lemma_small_mod((mul - size) as nat, two64() as nat);
        } else {
            vstd::arithmetic::div_mod::lemma_mod_multiples_vanish(
                1,
                mul - size,
                two64(),
            );
            vstd::arithmetic::div_mod::lemma_small_mod(
                (mul - size + two64()) as nat,
                two64() as nat,
            );
        }
    }
    let count: u64 = maybe_v(bytes, fields > 5, rest)?;
    let _ = maybe_s(bytes, fields > 6, 0)?;
    let index: u64 = maybe_v(bytes, fields > 7, 0)?;
    skip(
        bytes,
        if fields > 8 {
            fields - 8
        } else {
            0
        },
    )?;
    let header_idx: usize = if fields > 7 {
        if index > usize::MAX as u64 {
            usize::MAX
        } else {
            index as usize
        }
    } else {
        before.header_idx
    };
    Ok(Run { flags, pts, mul, stream, size, reserved, count, header_idx })
}

/// Fill in the codes of a run.
fn fill(codes: &mut Vec<FrameCode>, i: usize, run: Run)
    requires
        old(codes)@.len() == 256,
        i < 256,
        0 < run.count,
        after_run(i as int, run.count as int) <= 256,
        run.size + run.count - 1 <= u64::MAX,
    ensures
        final(codes)@ == filled(old(codes)@, i as int, run),
{
    let ghost before = codes@;
    let count: usize = run.count as usize;
    let end: usize = if i <= 78 && i + count > 78 {
        i + count + 1
    } else {
        i + count
    };
    let mut k: usize = i;
    while k < end
        invariant
            i <= k <= end <= 256,
            end == after_run(i as int, run.count as int),
            count == run.count,
            codes@.len() == 256,
            before.len() == 256,
            run.size + run.count - 1 <= u64::MAX,
            forall|j: int|
                0 <= j < 256 ==> #[trigger] codes@[j] == (if j < k {
                    filled(before, i as int, run)[j]
                } else {
                    before[j]
                }),
        decreases end - k,
    {
        let code: FrameCode = if k == 78 {
            FrameCode {
                flags: FLAG_INVALID,
                stream: 0,
                size_mul: 0,
                size_lsb: 0,
                pts_delta: 0,
                reserved: 0,
                header_idx: 0,
            }
        } else {
            let j: usize = if i <= 78 && k > 78 {
                k - i - 1
            } else {
                k - i
            };
            FrameCode {
                flags: run.flags,
                stream: run.stream,
                size_mul: run.mul,
                size_lsb: run.size + j as u64,
                pts_delta: run.pts,
                reserved: run.reserved,
                header_idx: run.header_idx,
            }
        };
        codes.set(k, code);
        k = k + 1;
    }
    assert(codes@ =~= filled(before, i as int, run));
}

/// The frame-code table of a main header: 256 entries, run-length coded.
pub fn frame_codes(bytes: &mut Bytes<'_>, streams: u64) -> (codes: Result<Vec<FrameCode>, Fault>)
    requires
        old(bytes).wf(),
    ensures
        final(bytes).wf(),
        final(bytes).data == old(bytes).data,
        match (
            codes,
            table_at(
                old(bytes).data@,
                old(bytes).at as int,
                streams,
                0,
                first_run(),
                blank_table(),
            ),
        ) {
            (Ok(codes), Ok((there, end))) => codes@ == there && final(bytes).at == end
                && codes@.len() == 256,
            (Err(a), Err(b)) => a == b,
            _ => false,
        },
{
    let none = FrameCode {
        flags: 0,
        stream: 0,
        size_mul: 0,
        size_lsb: 0,
        pts_delta: 0,
        reserved: 0,
        header_idx: 0,
    };
    let mut codes: Vec<FrameCode> = Vec::new();
    let mut n: usize = 0;
    while n < 256
        invariant
            n <= 256,
            codes@.len() == n,
            none == unset(),
            forall|j: int| 0 <= j < n ==> #[trigger] codes@[j] == unset(),
        decreases 256 - n,
    {
        codes.push(none);
        n = n + 1;
    }
    assert(codes@ =~= blank_table());
    let mut last = Run {
        flags: 0,
        pts: 0,
        mul: 1,
        stream: 0,
        size: 0,
        reserved: 0,
        count: 0,
        header_idx: 0,
    };
    let mut i: usize = 0;
    while i < 256
        invariant
            bytes.wf(),
            bytes.data == old(bytes).data,
            i <= 256,
            codes@.len() == 256,
            table_at(
                old(bytes).data@,
                old(bytes).at as int,
                streams,
                0,
                first_run(),
                blank_table(),
            ) == table_at(bytes.data@, bytes.at as int, streams, i as int, last, codes@),
        decreases 256 - i,
    {
        let next: Run = run(bytes, last)?;
        let room: u64 = if i <= 78 {
            255 - i as u64
        } else {
            256 - i as u64
        };
        if next.count == 0 || next.count > room || next.stream >= streams || next.size > u64::MAX - (
        next.count - 1) {
            return Err(Fault::InvalidEntry(i));
        }
        fill(&mut codes, i, next);
        let count: usize = next.count as usize;
        i = if i <= 78 && i + count > 78 {
            i + count + 1
        } else {
            i + count
        };
        last = next;
    }
    codes.set(
        78,
        FrameCode {
            flags: FLAG_INVALID,
            stream: 0,
            size_mul: 0,
            size_lsb: 0,
            pts_delta: 0,
            reserved: 0,
            header_idx: 0,
        },
    );
    Ok(codes)
}

/// A fraction is a time base: both terms positive and below two to the 31st.
pub open spec fn time_base_of(num: u64, den: u64) -> Result<Rational, Fault> {
    if 0 < num < 0x8000_0000 && 0 < den < 0x8000_0000 {
        Ok(Rational { num: num as i64, den: den as i64 })
    } else {
        Err(Fault::NotATimeBase { num, den })
    }
}

/// A fraction as a time base.
pub fn rational(num: u64, den: u64) -> (base: Result<Rational, Fault>)
    ensures
        base == time_base_of(num, den),
{
    if 0 < num && num < 0x8000_0000 && 0 < den && den < 0x8000_0000 {
        Ok(Rational { num: num as i64, den: den as i64 })
    } else {
        Err(Fault::NotATimeBase { num, den })
    }
}

/// The `count` time bases at `at`, after those `before`.
pub open spec fn time_bases_at(s: Seq<u8>, at: int, count: int, before: Seq<Rational>) -> Result<
    (Seq<Rational>, int),
    Fault,
>
    decreases count,
{
    if count <= 0 {
        Ok((before, at))
    } else {
        match field_at(s, at) {
            Err(fault) => Err(fault),
            Ok((num, at)) => match field_at(s, at) {
                Err(fault) => Err(fault),
                Ok((den, at)) => match time_base_of(num, den) {
                    Err(fault) => Err(fault),
                    Ok(base) => time_bases_at(s, at, count - 1, before.push(base)),
                },
            },
        }
    }
}

/// Read `count` time bases.
fn time_bases(bytes: &mut Bytes<'_>, count: u64) -> (bases: Result<Vec<Rational>, Fault>)
    requires
        old(bytes).wf(),
    ensures
        final(bytes).wf(),
        final(bytes).data == old(bytes).data,
        match (
            bases,
            time_bases_at(old(bytes).data@, old(bytes).at as int, count as int, Seq::empty()),
        ) {
            (Ok(bases), Ok((there, end))) => bases@ == there && final(bytes).at == end
                && bases@.len() == count,
            (Err(a), Err(b)) => a == b,
            _ => false,
        },
{
    let mut bases: Vec<Rational> = Vec::new();
    let mut left: u64 = count;
    while left > 0
        invariant
            bytes.wf(),
            bytes.data == old(bytes).data,
            left <= count,
            bases@.len() == count - left,
            time_bases_at(old(bytes).data@, old(bytes).at as int, count as int, Seq::empty())
                == time_bases_at(bytes.data@, bytes.at as int, left as int, bases@),
        decreases left,
    {
        let num: u64 = bytes.v()?;
        let den: u64 = bytes.v()?;
        let base: Rational = rational(num, den)?;
        bases.push(base);
        left = left - 1;
    }
    Ok(bases)
}

/// The bytes of a list of elision headers.
pub open spec fn contents(list: Seq<Vec<u8>>) -> Seq<Seq<u8>> {
    Seq::new(list.len(), |i: int| list[i]@)
}

/// The `count` elision headers at `at`, after those `before`: each a length
/// from one to 255 and as many bytes.
pub open spec fn elisions_at(s: Seq<u8>, at: int, count: int, before: Seq<Seq<u8>>) -> Result<
    Seq<Seq<u8>>,
    Fault,
>
    decreases count,
{
    if count <= 0 {
        Ok(before)
    } else {
        match field_at(s, at) {
            Err(fault) => Err(fault),
            Ok((length, at)) => if length == 0 || length >= 256 {
                Err(Fault::ElisionRange)
            } else {
                match take_at(s, at, length) {
                    Err(fault) => Err(fault),
                    Ok((bytes, at)) => elisions_at(s, at, count - 1, before.push(bytes)),
                }
            },
        }
    }
}

/// Read `count` elision headers, after the empty one.
fn elisions(bytes: &mut Bytes<'_>, count: u64) -> (list: Result<Vec<Vec<u8>>, Fault>)
    requires
        old(bytes).wf(),
    ensures
        final(bytes).wf(),
        match (
            list,
            elisions_at(
                old(bytes).data@,
                old(bytes).at as int,
                count as int,
                seq![Seq::<u8>::empty()],
            ),
        ) {
            (Ok(list), Ok(there)) => contents(list@) == there && list@.len() == count + 1,
            (Err(a), Err(b)) => a == b,
            _ => false,
        },
{
    let mut list: Vec<Vec<u8>> = Vec::new();
    list.push(Vec::new());
    assert(contents(list@) =~= seq![Seq::<u8>::empty()]);
    let mut left: u64 = count;
    while left > 0
        invariant
            bytes.wf(),
            bytes.data == old(bytes).data,
            left <= count,
            list@.len() == count - left + 1,
            elisions_at(
                old(bytes).data@,
                old(bytes).at as int,
                count as int,
                seq![Seq::<u8>::empty()],
            ) == elisions_at(bytes.data@, bytes.at as int, left as int, contents(list@)),
        decreases left,
    {
        let length: u64 = bytes.v()?;
        if length == 0 || length >= 256 {
            return Err(Fault::ElisionRange);
        }
        let ghost before = contents(list@);
        let slice: &[u8] = bytes.take(length)?;
        list.push(slice_to_vec(slice));
        assert(contents(list@) =~= before.push(slice@));
        left = left - 1;
    }
    Ok(list)
}

/// What a main header holds.
pub struct MainModel {
    pub streams: int,
    pub time_bases: Seq<Rational>,
    pub codes: Seq<FrameCode>,
    /// What is left off the front of frames; the first is empty.
    pub elision: Seq<Seq<u8>>,
}

/// Every frame code names an elision header there is.
pub open spec fn elisions_named(codes: Seq<FrameCode>, count: int) -> bool {
    forall|k: int|
        0 <= k < codes.len() ==> flagged((#[trigger] codes[k]).flags, FLAG_INVALID)
            || codes[k].header_idx < count
}

/// The main header `s` is.
#[verifier::opaque]
pub open spec fn main_of(s: Seq<u8>) -> Result<MainModel, Fault> {
    match field_at(s, 0) {
        Err(fault) => Err(fault),
        Ok((version, at)) => if version < 2 || version > 4 {
            Err(Fault::Version(version))
        } else {
            match maybe_field(s, at, version > 3, 0) {
                Err(fault) => Err(fault),
                Ok((_, at)) => match field_at(s, at) {
                    Err(fault) => Err(fault),
                    Ok((streams, at)) => if streams == 0 || streams > MAX_STREAMS {
                        Err(Fault::StreamCount(streams))
                    } else {
                        main_tables_of(s, at, streams)
                    },
                },
            }
        },
    }
}

/// The rest of a main header, after its count of streams.
#[verifier::opaque]
pub open spec fn main_tables_of(s: Seq<u8>, at: int, streams: u64) -> Result<MainModel, Fault> {
    match field_at(s, at) {
        Err(fault) => Err(fault),
        Ok((_, at)) => match field_at(s, at) {
            Err(fault) => Err(fault),
            Ok((count, at)) => if count == 0 || count > 1024 {
                Err(Fault::TimeBaseCount(count))
            } else {
                match time_bases_at(s, at, count as int, Seq::empty()) {
                    Err(fault) => Err(fault),
                    Ok((time_bases, at)) => match table_at(
                        s,
                        at,
                        streams,
                        0,
                        first_run(),
                        blank_table(),
                    ) {
                        Err(fault) => Err(fault),
                        Ok((codes, at)) => match elision_of(s, at) {
                            Err(fault) => Err(fault),
                            Ok(elision) => if elisions_named(codes, elision.len() as int) {
                                Ok(
                                    MainModel {
                                        streams: streams as int,
                                        time_bases,
                                        codes,
                                        elision,
                                    },
                                )
                            } else {
                                Err(Fault::NoSuchElision)
                            },
                        },
                    },
                }
            },
        },
    }
}

/// The elision headers at `at`, the empty one first; none where the main
/// header ends there.
pub open spec fn elision_of(s: Seq<u8>, at: int) -> Result<Seq<Seq<u8>>, Fault> {
    if at >= s.len() {
        Ok(seq![Seq::empty()])
    } else {
        match field_at(s, at) {
            Err(fault) => Err(fault),
            Ok((count, at)) => if count >= 128 {
                Err(Fault::ElisionCount(count))
            } else {
                elisions_at(s, at, count as int, seq![Seq::empty()])
            },
        }
    }
}

/// A main header.
#[derive(Debug)]
pub struct Main {
    pub streams: usize,
    pub time_bases: Vec<Rational>,
    pub codes: Vec<FrameCode>,
    pub elision: Vec<Vec<u8>>,
}

impl View for Main {
    type V = MainModel;

    open spec fn view(&self) -> MainModel {
        MainModel {
            streams: self.streams as int,
            time_bases: self.time_bases@,
            codes: self.codes@,
            elision: contents(self.elision@),
        }
    }
}

/// Read a main header.
pub fn main_header(body: &[u8]) -> (main: Result<Main, Fault>)
    ensures
        match (main, main_of(body@)) {
            (Ok(main), Ok(there)) => {
                &&& main@ == there
                &&& 1 <= main.streams <= 64
                &&& main.time_bases@.len() > 0
                &&& main.codes@.len() == 256
                &&& main.elision@.len() > 0
            },
            (Err(a), Err(b)) => a == b,
            _ => false,
        },
{
    proof {
        reveal(main_of);
        reveal(main_tables_of);
    }
    let mut bytes = Bytes::new(body);
    let version: u64 = bytes.v()?;
    if version < 2 || version > 4 {
        return Err(Fault::Version(version));
    }
    let _ = maybe_v(&mut bytes, version > 3, 0)?;
    let streams: u64 = bytes.v()?;
    if streams == 0 || streams > MAX_STREAMS {
        return Err(Fault::StreamCount(streams));
    }
    // Frames are read whole, not resynchronised.
    let _ = bytes.v()?;
    let count: u64 = bytes.v()?;
    if count == 0 || count > 1024 {
        return Err(Fault::TimeBaseCount(count));
    }
    let time_bases: Vec<Rational> = time_bases(&mut bytes, count)?;
    let codes: Vec<FrameCode> = frame_codes(&mut bytes, streams)?;
    let elision: Vec<Vec<u8>> = if bytes.remaining() > 0 {
        let count: u64 = bytes.v()?;
        if count >= 128 {
            return Err(Fault::ElisionCount(count));
        }
        elisions(&mut bytes, count)?
    } else {
        let mut list: Vec<Vec<u8>> = Vec::new();
        list.push(Vec::new());
        assert(contents(list@) =~= seq![Seq::<u8>::empty()]);
        list
    };
    let mut k: usize = 0;
    while k < codes.len()
        invariant
            k <= codes.len(),
            codes@.len() == 256,
            main_of(body@) == (if elisions_named(codes@, elision@.len() as int) {
                Ok::<MainModel, Fault>(
                    MainModel {
                        streams: streams as int,
                        time_bases: time_bases@,
                        codes: codes@,
                        elision: contents(elision@),
                    },
                )
            } else {
                Err(Fault::NoSuchElision)
            }),
            forall|j: int|
                0 <= j < k ==> flagged((#[trigger] codes@[j]).flags, FLAG_INVALID)
                    || codes@[j].header_idx < elision@.len(),
        decreases codes.len() - k,
    {
        let code: FrameCode = codes[k];
        if code.flags & FLAG_INVALID == 0 && code.header_idx >= elision.len() {
            assert(!flagged(codes@[k as int].flags, FLAG_INVALID));
            return Err(Fault::NoSuchElision);
        }
        k = k + 1;
    }
    Ok(Main { streams: streams as usize, time_bases, codes, elision })
}

} // verus!
